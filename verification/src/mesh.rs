//! The places of circuits in a mesh.

use crate::error::Error;
use vstd::prelude::*;

verus! {

/// The place of a circuit in the mesh that it is registered in.
#[derive(Clone, Copy, Debug, PartialEq, Eq, Structural)]
pub struct CircuitIndex {
    /// The number of circuits registered before it.
    pub index: usize,
}

impl CircuitIndex {
    /// The place with the given number.
    pub fn new(index: usize) -> (r: CircuitIndex)
        ensures
            r.index == index,
    {
        CircuitIndex { index }
    }
}

/// A mesh under construction: what has been registered, in the order of
/// registration. `T` names the circuits.
#[derive(Debug)]
pub struct MeshBuilder<T> {
    /// The names of the circuits registered so far.
    pub circuits: Vec<T>,
}

impl<T> MeshBuilder<T> {
    /// A mesh without circuits.
    pub fn new() -> (r: MeshBuilder<T>)
        ensures
            r.circuits@.len() == 0,
    {
        MeshBuilder { circuits: Vec::new() }
    }

    /// Registers a circuit at the next place.
    pub fn register_circuit(self, circuit: T) -> (r: Result<MeshBuilder<T>, Error>)
        ensures
            r matches Ok(mesh) && mesh.circuits@ == self.circuits@.push(circuit),
    {
        let mut mesh = self;
        mesh.circuits.push(circuit);
        Ok(mesh)
    }
}

} // verus!
