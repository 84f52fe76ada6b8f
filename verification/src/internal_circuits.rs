//! The circuits that every application has besides those of its steps.

use crate::coeff::Coeff;
use crate::driver::{steps_make, Circuit, Instruction, Op};
use crate::error::Error;
use crate::field::Fe;
use crate::mesh::{CircuitIndex, MeshBuilder};
use crate::staging::Stage;
use crate::step::NUM_INTERNAL_STEPS;
use vstd::prelude::*;

verus! {

/// The number of claims that a proof folds.
pub const NUM_REVDOT_CLAIMS: usize = 3;

/// An internal circuit.
#[derive(Clone, Copy, Debug, PartialEq, Eq, Structural)]
pub enum InternalCircuitIndex {
    /// The circuit that does nothing.
    DummyCircuit,
    /// The stage of the claims.
    ClaimStage,
    /// The circuit of the claims.
    ClaimCircuit,
    /// The stage of the preamble.
    PreambleStage,
}

impl InternalCircuitIndex {
    /// The place of the circuit among the internal circuits.
    pub open spec fn place(self) -> nat {
        match self {
            InternalCircuitIndex::DummyCircuit => 0,
            InternalCircuitIndex::ClaimStage => 1,
            InternalCircuitIndex::ClaimCircuit => 2,
            InternalCircuitIndex::PreambleStage => 3,
        }
    }

    /// The place of the circuit in the mesh of an application with
    /// `num_application_steps` steps of its own: the internal circuits
    /// follow the steps of the application and the internal steps.
    pub fn circuit_index(self, num_application_steps: usize) -> (r: CircuitIndex)
        requires
            num_application_steps + NUM_INTERNAL_STEPS + self.place() <= usize::MAX,
        ensures
            r.index == num_application_steps + NUM_INTERNAL_STEPS + self.place(),
    {
        let place: usize = match self {
            InternalCircuitIndex::DummyCircuit => 0,
            InternalCircuitIndex::ClaimStage => 1,
            InternalCircuitIndex::ClaimCircuit => 2,
            InternalCircuitIndex::PreambleStage => 3,
        };
        CircuitIndex::new(num_application_steps + NUM_INTERNAL_STEPS + place)
    }
}

/// The headers that the public input of one proof holds.
#[derive(Clone, Copy, Debug)]
pub struct ProofHeaders<const HEADER_SIZE: usize> {
    /// The header of the right input.
    pub right_header: [Fe; HEADER_SIZE],
    /// The header of the left input.
    pub left_header: [Fe; HEADER_SIZE],
    /// The header of the output.
    pub output_header: [Fe; HEADER_SIZE],
}

impl<const HEADER_SIZE: usize> ProofHeaders<HEADER_SIZE> {
    /// Every element of every header is canonical.
    pub open spec fn wf(&self) -> bool {
        &&& crate::poly::all_canonical(self.right_header@)
        &&& crate::poly::all_canonical(self.left_header@)
        &&& crate::poly::all_canonical(self.output_header@)
    }
}

/// What is registered in the mesh of an application.
#[derive(Clone, Copy, Debug, PartialEq, Eq, Structural)]
pub enum Registered {
    /// A step, by its index among the steps of the application and the
    /// internal steps.
    Step(usize),
    /// An internal circuit.
    Internal(InternalCircuitIndex),
}

/// Registers the internal circuits in the mesh of an application whose
/// steps are registered already. Each internal circuit comes to stand at
/// the place that `circuit_index` gives for it.
pub fn register_all(mesh: MeshBuilder<Registered>) -> (r: Result<MeshBuilder<Registered>, Error>)
    ensures
        r matches Ok(after) && {
            &&& after.circuits@.len() == mesh.circuits@.len() + 4
            &&& after.circuits@.subrange(0, mesh.circuits@.len() as int) == mesh.circuits@
            &&& after.circuits@[(mesh.circuits@.len() + InternalCircuitIndex::DummyCircuit.place()) as int]
                == Registered::Internal(InternalCircuitIndex::DummyCircuit)
            &&& after.circuits@[(mesh.circuits@.len() + InternalCircuitIndex::ClaimStage.place()) as int]
                == Registered::Internal(InternalCircuitIndex::ClaimStage)
            &&& after.circuits@[(mesh.circuits@.len() + InternalCircuitIndex::ClaimCircuit.place()) as int]
                == Registered::Internal(InternalCircuitIndex::ClaimCircuit)
            &&& after.circuits@[(mesh.circuits@.len() + InternalCircuitIndex::PreambleStage.place()) as int]
                == Registered::Internal(InternalCircuitIndex::PreambleStage)
        },
{
    let ghost before = mesh.circuits@;
    let mesh = mesh.register_circuit(Registered::Internal(InternalCircuitIndex::DummyCircuit))?;
    let mesh = mesh.register_circuit(Registered::Internal(InternalCircuitIndex::ClaimStage))?;
    let mesh = mesh.register_circuit(Registered::Internal(InternalCircuitIndex::ClaimCircuit))?;
    let mesh = mesh.register_circuit(Registered::Internal(InternalCircuitIndex::PreambleStage))?;
    proof {
        assert(mesh.circuits@.subrange(0, before.len() as int) =~= before);
    }
    Ok(mesh)
}

/// The witness of the stage of the preamble: the headers of the two proofs
/// that a step merges.
#[derive(Clone, Copy, Debug)]
pub struct Witness<const HEADER_SIZE: usize> {
    /// The headers of the left proof.
    pub left: ProofHeaders<HEADER_SIZE>,
    /// The headers of the right proof.
    pub right: ProofHeaders<HEADER_SIZE>,
}

impl<const HEADER_SIZE: usize> Witness<HEADER_SIZE> {
    /// Every element of every header is canonical.
    pub open spec fn wf(&self) -> bool {
        self.left.wf() && self.right.wf()
    }

    /// The six headers in the order of the wires of the stage: right,
    /// left and output of the left proof, then of the right proof.
    pub open spec fn header_spec(&self, which: int) -> Seq<Fe> {
        if which == 0 {
            self.left.right_header@
        } else if which == 1 {
            self.left.left_header@
        } else if which == 2 {
            self.left.output_header@
        } else if which == 3 {
            self.right.right_header@
        } else if which == 4 {
            self.right.left_header@
        } else {
            self.right.output_header@
        }
    }

    /// The elements of the witness in the order of the wires of the stage.
    pub open spec fn elements(&self) -> Seq<Fe> {
        Seq::new(
            (6 * HEADER_SIZE) as nat,
            |k: int| self.header_spec(k / (HEADER_SIZE as int))[k % (HEADER_SIZE as int)],
        )
    }

    /// One of the six headers, by its place in the order of the wires.
    pub fn header(&self, which: usize) -> (r: &[Fe; HEADER_SIZE])
        requires
            which < 6,
        ensures
            r@ == self.header_spec(which as int),
    {
        if which == 0 {
            &self.left.right_header
        } else if which == 1 {
            &self.left.left_header
        } else if which == 2 {
            &self.left.output_header
        } else if which == 3 {
            &self.right.right_header
        } else if which == 4 {
            &self.right.left_header
        } else {
            &self.right.output_header
        }
    }
}

/// The number of wires of the stage of the preamble: three headers for
/// each of two proofs.
pub fn preamble_values(header_size: usize) -> (r: usize)
    requires
        6 * header_size <= usize::MAX,
    ensures
        r == 6 * header_size,
{
    2 * 3 * header_size
}

/// The instructions are one single wire for each of the first elements of
/// the witness.
pub open spec fn allocates<const HEADER_SIZE: usize>(
    steps: Seq<Instruction>,
    witness: &Witness<HEADER_SIZE>,
) -> bool {
    forall|k: int|
        0 <= k < steps.len() ==> (#[trigger] steps[k]) == Instruction::Op(
            Op::Alloc(Coeff::Arbitrary(witness.elements()[k])),
        )
}

/// Puts one single wire for each element of one of the six headers at the
/// end of the instructions.
pub fn alloc_header<const HEADER_SIZE: usize>(
    steps: &mut Vec<Instruction>,
    witness: &Witness<HEADER_SIZE>,
    which: usize,
)
    requires
        which < 6,
        6 * HEADER_SIZE <= usize::MAX,
        old(steps)@.len() == which * HEADER_SIZE,
        allocates(old(steps)@, witness),
    ensures
        final(steps)@.len() == (which + 1) * HEADER_SIZE,
        allocates(final(steps)@, witness),
{
    let data = witness.header(which);
    let mut i: usize = 0;
    proof {
        assert((which + 1) * HEADER_SIZE == which * HEADER_SIZE + HEADER_SIZE)
            by (nonlinear_arith);
        assert((which + 1) * HEADER_SIZE <= 6 * HEADER_SIZE) by (nonlinear_arith)
            requires
                which < 6,
        ;
    }
    while i < HEADER_SIZE
        invariant
            0 <= i <= HEADER_SIZE,
            which < 6,
            data@ == witness.header_spec(which as int),
            steps@.len() == which * HEADER_SIZE + i,
            which * HEADER_SIZE + HEADER_SIZE <= 6 * HEADER_SIZE,
            allocates(steps@, witness),
        decreases HEADER_SIZE - i,
    {
        let ghost before = steps@;
        steps.push(Instruction::Op(Op::Alloc(Coeff::Arbitrary(data[i]))));
        proof {
            let k = before.len() as int;
            vstd::arithmetic::div_mod::lemma_fundamental_div_mod_converse(
                k,
                HEADER_SIZE as int,
                which as int,
                i as int,
            );
            assert forall|j: int| 0 <= j < steps@.len() implies (#[trigger] steps@[j])
                == Instruction::Op(Op::Alloc(Coeff::Arbitrary(witness.elements()[j]))) by {
                if j < k {
                    assert(steps@[j] == before[j]);
                }
            }
        }
        i += 1;
    }
}

/// The stage of the preamble for the given witness: one single wire for
/// each element of the headers, in the order right, left, output, first
/// for the left proof and then for the right proof. The stage has no
/// parent and enforces nothing within itself.
pub fn preamble_stage<const HEADER_SIZE: usize>(id: usize, witness: &Witness<HEADER_SIZE>) -> (r:
    Stage)
    requires
        witness.wf(),
        6 * HEADER_SIZE < usize::MAX,
    ensures
        r.wf(),
        r.wire_need() == 6 * HEADER_SIZE,
        r.id == id,
        r.parent is None,
        r.values == 6 * HEADER_SIZE,
        r.circuit.steps@.len() == 6 * HEADER_SIZE,
        allocates(r.circuit.steps@, witness),
        r.circuit.outputs@.len() == 6 * HEADER_SIZE,
        forall|k: int| 0 <= k < 6 * HEADER_SIZE ==> (#[trigger] r.circuit.outputs@[k]) == k + 1,
{
    let mut steps: Vec<Instruction> = Vec::new();
    alloc_header(&mut steps, witness, 0);
    alloc_header(&mut steps, witness, 1);
    alloc_header(&mut steps, witness, 2);
    alloc_header(&mut steps, witness, 3);
    alloc_header(&mut steps, witness, 4);
    alloc_header(&mut steps, witness, 5);
    let total = preamble_values(HEADER_SIZE);
    let mut outputs: Vec<usize> = Vec::new();
    let mut k: usize = 0;
    while k < total
        invariant
            0 <= k <= total,
            total < usize::MAX,
            outputs@.len() == k,
            forall|j: int| 0 <= j < k ==> (#[trigger] outputs@[j]) == j + 1,
        decreases total - k,
    {
        outputs.push(k + 1);
        k += 1;
    }
    proof {
        let h = HEADER_SIZE as int;
        assert forall|k: int| 0 <= k < steps@.len() implies (#[trigger] steps@[k]).makes() == 1
            && steps@[k].wf(1 + steps_make(steps@.take(k))) by {
            assert(0 <= k / h < 6 && 0 <= k % h < h) by (nonlinear_arith)
                requires
                    0 <= k < 6 * h,
            ;
            let header = witness.header_spec(k / h);
            assert(crate::poly::all_canonical(header));
            assert(header[k % h].wf());
        }
        lemma_steps_make_singles(steps@);
    }
    Stage { id, parent: None, values: total, circuit: Circuit { steps, outputs } }
}

/// Instructions that make one wire each make as many wires as there are
/// instructions.
pub proof fn lemma_steps_make_singles(steps: Seq<Instruction>)
    requires
        forall|k: int| 0 <= k < steps.len() ==> (#[trigger] steps[k]).makes() == 1,
    ensures
        steps_make(steps) == steps.len(),
    decreases steps.len(),
{
    if steps.len() > 0 {
        assert forall|k: int| 0 <= k < steps.drop_last().len() implies (
        #[trigger] steps.drop_last()[k]).makes() == 1 by {
            assert(steps.drop_last()[k] == steps[k]);
        }
        lemma_steps_make_singles(steps.drop_last());
        assert(steps.last() == steps[steps.len() - 1]);
    }
}

} // verus!
