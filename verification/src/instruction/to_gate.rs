use vstd::prelude::*;
use crate::instruction::i_struct::{IStruct, Op};

verus! {

/// The model of an optional label.
pub open spec fn label_model(label: Option<String>) -> Option<Seq<char>> {
    match label {
        Some(s) => Some(s@),
        None => None,
    }
}

/// An object that can be turned into a circuit instruction placed on given qubits.
pub trait ToGate {
    /// The instruction that `to_gate` builds for the given positions and label.
    spec fn gate_model(&self, position: Seq<usize>, label: Option<Seq<char>>) -> Op;

    /// Converts the object into an instruction acting on the qubits `position`.
    ///
    /// The instruction refers, at top level, only to qubits listed in `position`,
    /// and to no classical bit.
    fn to_gate(&self, position: Vec<usize>, label: Option<String>) -> (g: IStruct)
        ensures
            g@ == self.gate_model(position@, label_model(label)),
            forall|n: nat|
                (forall|i: int| 0 <= i < position@.len() ==> (#[trigger] position@[i]) < n)
                    ==> g@.qubits_below(n),
            forall|n: nat| #[trigger] g@.clbits_below(n),
    ;
}

} // verus!
