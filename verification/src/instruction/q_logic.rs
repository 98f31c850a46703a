use vstd::prelude::*;

verus! {

/// An object that has a size: the number of qubits it acts on.
pub trait QLogic {
    /// The size of the object, as a mathematical integer.
    spec fn size(&self) -> nat;

    /// Returns the number of qubits the object acts on.
    fn get_size(&self) -> (r: usize)
        ensures
            r == self.size(),
    ;
}

} // verus!
