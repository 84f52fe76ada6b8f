//! The internal circuits of the nested side of an application.

use crate::error::Error;
use crate::mesh::{CircuitIndex, MeshBuilder};
use vstd::prelude::*;

verus! {

/// An internal circuit of the nested side.
#[derive(Clone, Copy, Debug, PartialEq, Eq, Structural)]
pub enum InternalCircuitIndex {
    /// The stage of the endoscalar.
    EndoscalarStage,
    /// The stage of the points.
    PointsStage,
    /// The final object of the stage of the points.
    PointsFinalStaged,
    /// The circuit of the endoscaling step with the given number.
    EndoscalingStep(usize),
}

impl InternalCircuitIndex {
    /// The place of the circuit in the mesh: the three stage objects come
    /// first, and the endoscaling steps follow in their order.
    pub fn circuit_index(self) -> (r: CircuitIndex)
        requires
            self matches InternalCircuitIndex::EndoscalingStep(step) ==> step + 3 <= usize::MAX,
        ensures
            r.index == match self {
                InternalCircuitIndex::EndoscalarStage => 0,
                InternalCircuitIndex::PointsStage => 1,
                InternalCircuitIndex::PointsFinalStaged => 2,
                InternalCircuitIndex::EndoscalingStep(step) => 3 + step,
            },
    {
        let idx: usize = match self {
            InternalCircuitIndex::EndoscalarStage => 0,
            InternalCircuitIndex::PointsStage => 1,
            InternalCircuitIndex::PointsFinalStaged => 2,
            InternalCircuitIndex::EndoscalingStep(step) => 3 + step,
        };
        CircuitIndex::new(idx)
    }
}

/// Registers the internal circuits of the nested side in a mesh: the three
/// stage objects, and then the circuits of the `num_steps` endoscaling
/// steps. In a mesh that was empty each comes to stand at the place that
/// `circuit_index` gives for it.
pub fn register_all(mesh: MeshBuilder<InternalCircuitIndex>, num_steps: usize) -> (r: Result<
    MeshBuilder<InternalCircuitIndex>,
    Error,
>)
    ensures
        r matches Ok(after) && {
            let base = mesh.circuits@.len() as int;
            &&& after.circuits@.len() == base + 3 + num_steps
            &&& after.circuits@.subrange(0, base) == mesh.circuits@
            &&& after.circuits@[base + 0] == InternalCircuitIndex::EndoscalarStage
            &&& after.circuits@[base + 1] == InternalCircuitIndex::PointsStage
            &&& after.circuits@[base + 2] == InternalCircuitIndex::PointsFinalStaged
            &&& forall|step: int|
                0 <= step < num_steps ==> #[trigger] after.circuits@[base + 3 + step]
                    == InternalCircuitIndex::EndoscalingStep(step as usize)
        },
{
    let ghost before = mesh.circuits@;
    let ghost base = before.len() as int;
    let mut mesh = mesh.register_circuit(InternalCircuitIndex::EndoscalarStage)?;
    mesh = mesh.register_circuit(InternalCircuitIndex::PointsStage)?;
    mesh = mesh.register_circuit(InternalCircuitIndex::PointsFinalStaged)?;
    let mut step: usize = 0;
    proof {
        assert(mesh.circuits@.subrange(0, base) =~= before);
    }
    while step < num_steps
        invariant
            0 <= step <= num_steps,
            base == before.len(),
            mesh.circuits@.len() == base + 3 + step,
            mesh.circuits@.subrange(0, base) == before,
            mesh.circuits@[base + 0] == InternalCircuitIndex::EndoscalarStage,
            mesh.circuits@[base + 1] == InternalCircuitIndex::PointsStage,
            mesh.circuits@[base + 2] == InternalCircuitIndex::PointsFinalStaged,
            forall|j: int|
                0 <= j < step ==> #[trigger] mesh.circuits@[base + 3 + j]
                    == InternalCircuitIndex::EndoscalingStep(j as usize),
        decreases num_steps - step,
    {
        let ghost earlier = mesh.circuits@;
        mesh = mesh.register_circuit(InternalCircuitIndex::EndoscalingStep(step))?;
        proof {
            assert(mesh.circuits@.subrange(0, base) =~= earlier.subrange(0, base));
            assert forall|j: int| 0 <= j < step + 1 implies #[trigger] mesh.circuits@[base + 3 + j]
                == InternalCircuitIndex::EndoscalingStep(j as usize) by {
                if j < step {
                    assert(mesh.circuits@[base + 3 + j] == earlier[base + 3 + j]);
                }
            }
        }
        step += 1;
    }
    Ok(mesh)
}

} // verus!
