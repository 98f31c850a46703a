//! The parts of a statevector simulation that only move amplitudes: the
//! exchange of amplitudes that a controlled NOT performs on the basis
//! indices, and the renaming of the qubits of the instructions of a
//! composite gate.

use vstd::prelude::*;
use crate::instruction::i_struct::{IStruct, Op};

verus! {

/// The bit of qubit `q` in a basis index of `n` qubits; qubit 0 is the most
/// significant bit.
pub open spec fn qubit_bit(n: usize, q: usize) -> usize {
    1usize << ((n - 1 - q) as usize)
}

/// The basis index that the amplitude of `|i>` comes from when the bit `t`
/// is flipped wherever all the bits of `ctrl` are set (`t` not among them).
pub open spec fn flip_index(i: usize, ctrl: usize, t: usize) -> usize {
    if i & ctrl == ctrl && ctrl & t == 0 {
        i ^ t
    } else {
        i
    }
}

/// Setting a bit below `n` keeps an index below `2^n`.
proof fn lemma_set_bit_below(i: usize, b: usize, n: usize)
    requires
        i < (1usize << n),
        b < n,
        n < usize::BITS,
    ensures
        (i | (1usize << b)) < (1usize << n),
{
    assert((i < (1usize << n) && b < n && n < usize::BITS) ==> (i | (1usize << b)) < (1usize << n)) by (bit_vector);
}

/// Facts about flipping the single bit `t == 1 << b`.
proof fn lemma_flip_bits(k: usize, i: usize, ctrl: usize, t: usize, b: usize)
    by (bit_vector)
    requires
        t == (1usize << b),
        b < usize::BITS,
    ensures
        ctrl & t == 0 ==> (k ^ t) & ctrl == k & ctrl,
        k & t != 0 ==> (k ^ t) & t == 0 && ((k ^ t) | t) == k && (k ^ t) < k,
        k & t == 0 ==> (k ^ t) == (k | t) && (k | t) & t != 0 && ((k | t) ^ t) == k,
        i & t == 0 ==> ((i | t) ^ t) == i && (i | t) & t != 0 && (i | t) == (i ^ t),
        ctrl & t == 0 ==> (i | t) & ctrl == i & ctrl,
        i & ctrl == ctrl && i & t == 0 ==> ctrl & t == 0,
        k & t == 0 && i & t == 0 && k != i ==> (k | t) != (i | t),
{
}

/// Flipping the same bit twice under the same controls gives the index back.
pub proof fn lemma_flip_twice(i: usize, ctrl: usize, t: usize)
    ensures
        flip_index(flip_index(i, ctrl, t), ctrl, t) == i,
{
    assert(ctrl & t == 0 ==> ((i ^ t) & ctrl == i & ctrl) && ((i ^ t) ^ t == i)) by (bit_vector);
}

/// The state `s` after the amplitudes of `|i>` and `|i ^ t>` are exchanged
/// wherever `i` has all the bits of `ctrl` set.
pub open spec fn flipped<T>(s: Seq<T>, ctrl: usize, t: usize) -> Seq<T> {
    Seq::new(s.len(), |k: int| s[flip_index(k as usize, ctrl, t) as int])
}

/// Where the amplitude of `|k>` comes from once the indices below `i` have
/// been visited.
spec fn flipped_so_far(k: usize, ctrl: usize, t: usize, i: usize) -> usize {
    if k & ctrl == ctrl && ctrl & t == 0 && (if k & t == 0 { k < i } else { (k ^ t) < i }) {
        k ^ t
    } else {
        k
    }
}

/// Exchanges the amplitudes of `|i>` and `|i ^ t>` for every index `i` that
/// has all the bits of `ctrl` set, where `t` is the bit `1 << b` and the
/// state has `2^n` amplitudes.
fn flip_where<T: Copy>(state: &mut Vec<T>, ctrl: usize, b: usize, n: usize)
    requires
        n < usize::BITS,
        b < n,
        old(state)@.len() == (1usize << n),
    ensures
        final(state)@ == flipped(old(state)@, ctrl, 1usize << b),
{
    let t: usize = 1usize << b;
    let dim = state.len();
    let ghost s0 = state@;
    assert((1usize << b) & (1usize << b) == (1usize << b) && (1usize << b) != 0usize) by (bit_vector)
        requires
            b < n,
            n < usize::BITS,
    ;
    let mut i: usize = 0;
    while i < dim
        invariant
            dim == s0.len(),
            dim == (1usize << n),
            state@.len() == dim,
            t == (1usize << b),
            t & t == t,
            t != 0,
            b < n,
            n < usize::BITS,
            i <= dim,
            forall|k: int| 0 <= k < dim ==> #[trigger] state@[k] == s0[flipped_so_far(k as usize, ctrl, t, i) as int],
            forall|k: int| 0 <= k < dim ==> (#[trigger] flipped_so_far(k as usize, ctrl, t, i)) < dim,
        decreases dim - i,
    {
        if i & ctrl == ctrl && i & t == 0 {
            proof {
                lemma_set_bit_below(i, b, n);
            }
            let j = i | t;
            let a = state[i];
            let c = state[j];
            state.set(i, c);
            state.set(j, a);
        }
        proof {
            assert forall|k: int| 0 <= k < dim implies #[trigger] flipped_so_far(k as usize, ctrl, t, (i + 1) as usize)
                < dim by {
                lemma_flip_bits(k as usize, i, ctrl, t, b);
                if (k as usize) & t == 0 {
                    lemma_set_bit_below(k as usize, b, n);
                }
            }
            assert forall|k: int| 0 <= k < dim implies #[trigger] state@[k] == s0[flipped_so_far(
                k as usize,
                ctrl,
                t,
                (i + 1) as usize,
            ) as int] && flipped_so_far(k as usize, ctrl, t, (i + 1) as usize) < dim by {
                let ku = k as usize;
                let iu = i;
                lemma_flip_bits(ku, iu, ctrl, t, b);
                if ku & t == 0 {
                    lemma_set_bit_below(ku, b, n);
                }
            }
        }
        i += 1;
    }
    assert forall|k: int| 0 <= k < dim implies #[trigger] flipped_so_far(k as usize, ctrl, t, i) == flip_index(k as usize, ctrl, t) by {
        lemma_flip_bits(k as usize, 0, ctrl, t, b);
    }
    assert(state@ =~= flipped(s0, ctrl, t));
}

/// `CX(control, target)` on a state of `n` qubits: the amplitudes of `|i>`
/// and of `|i>` with the target bit flipped are exchanged wherever `i` has
/// the control bit set.
pub fn apply_cx<T: Copy>(state: &mut Vec<T>, n: usize, control: usize, target: usize)
    requires
        control < n,
        target < n,
        n < usize::BITS,
        old(state)@.len() == (1usize << n),
    ensures
        final(state)@ == flipped(old(state)@, qubit_bit(n, control), qubit_bit(n, target)),
{
    let ctrl: usize = 1usize << (n - 1 - control);
    flip_where(state, ctrl, n - 1 - target, n);
}

/// The Toffoli gate on a state of `n` qubits: the target bit is flipped
/// wherever both control bits are set.
pub fn apply_ccx<T: Copy>(state: &mut Vec<T>, n: usize, control0: usize, control1: usize, target: usize)
    requires
        control0 < n,
        control1 < n,
        target < n,
        n < usize::BITS,
        old(state)@.len() == (1usize << n),
    ensures
        final(state)@ == flipped(
            old(state)@,
            qubit_bit(n, control0) | qubit_bit(n, control1),
            qubit_bit(n, target),
        ),
{
    let c0: usize = 1usize << (n - 1 - control0);
    let c1: usize = 1usize << (n - 1 - control1);
    flip_where(state, c0 | c1, n - 1 - target, n);
}

/// A controlled flip undone by itself: exchanging the same amplitudes twice
/// gives the state back.
pub proof fn lemma_flipped_twice<T>(s: Seq<T>, ctrl: usize, b: usize, n: usize)
    requires
        n < usize::BITS,
        b < n,
        s.len() == (1usize << n),
    ensures
        flipped(flipped(s, ctrl, 1usize << b), ctrl, 1usize << b) == s,
{
    let t = 1usize << b;
    assert forall|k: int| 0 <= k < s.len() implies #[trigger] flipped(flipped(s, ctrl, t), ctrl, t)[k] == s[k] by {
        let ku = k as usize;
        lemma_flip_twice(ku, ctrl, t);
        lemma_flip_bits(ku, ku, ctrl, t, b);
        if ku & t == 0 {
            lemma_set_bit_below(ku, b, n);
        }
    }
    assert(flipped(flipped(s, ctrl, t), ctrl, t) =~= s);
}

/// An instruction of a composite gate moved onto the qubits of the circuit:
/// the single-qubit gates, the rotations and the CNOTs act on `position[q]`
/// in place of their local qubit `q`; any other instruction is kept as it is.
pub open spec fn place_op(op: Op, position: Seq<usize>) -> Op {
    match op {
        Op::H(q) => Op::H(position[q as int]),
        Op::X(q) => Op::X(position[q as int]),
        Op::Y(q) => Op::Y(position[q as int]),
        Op::Z(q) => Op::Z(position[q as int]),
        Op::CX { control, target } => Op::CX { control: position[control as int], target: position[target as int] },
        Op::RZ { angle, target } => Op::RZ { angle, target: position[target as int] },
        Op::RX { angle, target } => Op::RX { angle, target: position[target as int] },
        Op::RY { angle, target } => Op::RY { angle, target: position[target as int] },
        _ => op,
    }
}

/// The local qubits that `place_op` moves are among the `n` positions.
pub open spec fn placeable(op: Op, n: nat) -> bool {
    match op {
        Op::H(q) => q < n,
        Op::X(q) => q < n,
        Op::Y(q) => q < n,
        Op::Z(q) => q < n,
        Op::CX { control, target } => control < n && target < n,
        Op::RZ { target, .. } => target < n,
        Op::RX { target, .. } => target < n,
        Op::RY { target, .. } => target < n,
        _ => true,
    }
}

/// The instructions of a composite gate moved onto the qubits `position`
/// of the circuit, one for one.
pub fn remap_instructions(instructions: &[Box<IStruct>], position: &[usize]) -> (r: Vec<IStruct>)
    requires
        forall|j: int| 0 <= j < instructions@.len() ==> placeable(#[trigger] instructions@[j].model(), position@.len()),
    ensures
        r@.len() == instructions@.len(),
        forall|j: int| 0 <= j < r@.len() ==> #[trigger] r@[j]@ == place_op(instructions@[j].model(), position@),
{
    let mut out: Vec<IStruct> = Vec::new();
    let mut j: usize = 0;
    while j < instructions.len()
        invariant
            j <= instructions@.len(),
            out@.len() == j,
            forall|k: int| 0 <= k < instructions@.len() ==> placeable(#[trigger] instructions@[k].model(), position@.len()),
            forall|k: int| 0 <= k < j ==> #[trigger] out@[k]@ == place_op(instructions@[k].model(), position@),
        decreases instructions@.len() - j,
    {
        let ins: &IStruct = &instructions[j];
        assert(placeable(instructions@[j as int].model(), position@.len()));
        let moved = match ins {
            IStruct::H(q) => IStruct::H(position[*q]),
            IStruct::X(q) => IStruct::X(position[*q]),
            IStruct::Y(q) => IStruct::Y(position[*q]),
            IStruct::Z(q) => IStruct::Z(position[*q]),
            IStruct::CX { control, target } => IStruct::CX { control: position[*control], target: position[*target] },
            IStruct::RZ { angle, target } => IStruct::RZ { angle: angle.copy(), target: position[*target] },
            IStruct::RX { angle, target } => IStruct::RX { angle: angle.copy(), target: position[*target] },
            IStruct::RY { angle, target } => IStruct::RY { angle: angle.copy(), target: position[*target] },
            other => other.copy(),
        };
        out.push(moved);
        j += 1;
    }
    out
}

/// The qubits that an instruction names, for the instructions that
/// `place_op` moves: none for the others.
pub open spec fn moved_qubits(op: Op) -> Seq<usize> {
    match op {
        Op::H(q) => seq![q],
        Op::X(q) => seq![q],
        Op::Y(q) => seq![q],
        Op::Z(q) => seq![q],
        Op::CX { control, target } => seq![control, target],
        Op::RZ { target, .. } => seq![target],
        Op::RX { target, .. } => seq![target],
        Op::RY { target, .. } => seq![target],
        _ => Seq::empty(),
    }
}

/// The instruction with the qubits of `moved_qubits` set to zero: what it
/// does, apart from where.
pub open spec fn without_qubits(op: Op) -> Op {
    match op {
        Op::H(_) => Op::H(0),
        Op::X(_) => Op::X(0),
        Op::Y(_) => Op::Y(0),
        Op::Z(_) => Op::Z(0),
        Op::CX { .. } => Op::CX { control: 0, target: 0 },
        Op::RZ { angle, .. } => Op::RZ { angle, target: 0 },
        Op::RX { angle, .. } => Op::RX { angle, target: 0 },
        Op::RY { angle, .. } => Op::RY { angle, target: 0 },
        _ => op,
    }
}

/// Moving an instruction onto the positions keeps what it does and sends
/// each qubit `q` that it names to `position[q]`: no moved instruction keeps
/// a local index. Instructions that name no such qubit stay as they are.
pub proof fn lemma_place_op_moves(op: Op, position: Seq<usize>)
    requires
        placeable(op, position.len()),
    ensures
        moved_qubits(place_op(op, position)) == moved_qubits(op).map_values(|q: usize| position[q as int]),
        without_qubits(place_op(op, position)) == without_qubits(op),
        moved_qubits(op).len() == 0 ==> place_op(op, position) == op,
{
    assert(moved_qubits(place_op(op, position)) =~= moved_qubits(op).map_values(|q: usize| position[q as int]));
}

} // verus!
