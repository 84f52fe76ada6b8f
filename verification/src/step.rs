//! The numbering of the steps of an application.

use crate::driver::Driver;
use crate::encoder::{Encoded, Encoder};
use crate::error::{Error, Reason};
use vstd::prelude::*;

verus! {

/// The steps that every application has besides its own.
#[derive(Clone, Copy, Debug, PartialEq, Eq, Structural)]
pub enum InternalStepIndex {
    /// The step that rerandomizes a proof.
    Rerandomize,
}

impl InternalStepIndex {
    /// The place of the step among the internal steps.
    pub open spec fn place(self) -> nat {
        match self {
            InternalStepIndex::Rerandomize => 0,
        }
    }

    /// The place of the step among the internal steps.
    pub fn index(self) -> (r: usize)
        ensures
            r == self.place(),
            r < NUM_INTERNAL_STEPS,
    {
        match self {
            InternalStepIndex::Rerandomize => 0,
        }
    }
}

/// The number of internal steps.
pub const NUM_INTERNAL_STEPS: usize = 1;

/// The place of a step in an application: among the steps of the
/// application itself, or among the internal steps.
#[derive(Clone, Copy, Debug, PartialEq, Eq, Structural)]
pub enum StepIndex {
    /// A step of the application, by its number.
    Application(usize),
    /// An internal step.
    Internal(InternalStepIndex),
}

impl StepIndex {
    /// The index of the step of an application with the given number.
    pub fn new(value: usize) -> (r: StepIndex)
        ensures
            r == StepIndex::Application(value),
    {
        StepIndex::Application(value)
    }

    /// The index of the circuit of this step, in an application with
    /// `num_application_steps` steps of its own: the steps of the
    /// application come first, in their order, and the internal steps
    /// follow. A step of the application whose number is not below
    /// `num_application_steps` is refused with `Initialization`.
    pub fn circuit_index(self, num_application_steps: usize) -> (r: Result<usize, Error>)
        requires
            self matches StepIndex::Internal(i) ==> num_application_steps + i.place()
                <= usize::MAX,
        ensures
            match self {
                StepIndex::Internal(i) => r == Ok::<usize, Error>(
                    (num_application_steps + i.place()) as usize,
                ),
                StepIndex::Application(i) => if i < num_application_steps {
                    r == Ok::<usize, Error>(i)
                } else {
                    r == Err::<usize, Error>(Error::Initialization(Reason::StepIndexOutOfRange))
                },
            },
    {
        match self {
            StepIndex::Internal(i) => Ok(num_application_steps + i.index()),
            StepIndex::Application(i) => {
                if i >= num_application_steps {
                    return Err(Error::Initialization(Reason::StepIndexOutOfRange));
                }
                Ok(i)
            },
        }
    }

    /// Checks, when steps are registered, that this step of the
    /// application carries the number that comes next. Any other number is
    /// refused with `Initialization`.
    pub fn assert_index(self, expect_id: usize) -> (r: Result<(), Error>)
        requires
            self is Application,
        ensures
            self == StepIndex::Application(expect_id) ==> r is Ok,
            self != StepIndex::Application(expect_id) ==> r == Err::<(), Error>(
                Error::Initialization(Reason::StepOutOfSequence),
            ),
    {
        match self {
            StepIndex::Application(i) => {
                if i != expect_id {
                    return Err(Error::Initialization(Reason::StepOutOfSequence));
                }
                Ok(())
            },
            StepIndex::Internal(_) => Err(Error::Initialization(Reason::StepOutOfSequence)),
        }
    }
}

/// A node of the graph of proofs: what merges two proofs into one.
pub trait Step {
    /// The index of the step, which no other step of the application
    /// shares.
    fn index(&self) -> StepIndex;

    /// Checks that the merge is in order: given the headers of the left and
    /// of the right input, synthesizes what the step requires of them and
    /// returns the encoded headers of the two inputs and of the output.
    fn witness<D: Driver>(&self, dr: &mut D, left: Encoder, right: Encoder) -> (r: Result<
        (Encoded<D>, Encoded<D>, Encoded<D>),
        Error,
    >)
        requires
            old(dr).wf(),
            left.witness.wf(),
            right.witness.wf(),
    ;
}

} // verus!
