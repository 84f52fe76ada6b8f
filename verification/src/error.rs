//! The errors that synthesis reports.

use vstd::prelude::*;
use vstd::string::StringExecFns;

verus! {

/// What exactly was out of order, for the errors that say so.
#[derive(Clone, Copy, Debug, PartialEq, Eq, Structural)]
pub enum Reason {
    /// A gadget has more wires than were reserved for it.
    NotEnoughStageWires,
    /// A gadget has fewer wires than were reserved for it.
    TooManyStageWires,
    /// A header has more elements than a header may have.
    HeaderTooLong,
    /// A step of the application has an index that is not below the number
    /// of its steps.
    StepIndexOutOfRange,
    /// A step was registered with another index than the next.
    StepOutOfSequence,
    /// A stage was added that does not come next.
    StageOutOfOrder,
    /// The stages were ended before the last of them was added.
    StagesUnfinished,
}

/// The reason in words.
pub open spec fn reason_text(reason: Reason) -> Seq<char> {
    match reason {
        Reason::NotEnoughStageWires => "not enough stage wires"@,
        Reason::TooManyStageWires => "too many stage wires"@,
        Reason::HeaderTooLong => "header does not fit the header size"@,
        Reason::StepIndexOutOfRange => "attempted to use application Step index that exceeds Application registered steps"@,
        Reason::StepOutOfSequence => "steps must be registered in sequential order"@,
        Reason::StageOutOfOrder => "stages must be added in their declared order"@,
        Reason::StagesUnfinished => "stages must all be added before the driver is taken back"@,
    }
}

/// The reason in words.
pub fn reason_message(reason: Reason) -> (r: String)
    ensures
        r@ == reason_text(reason),
{
    match reason {
        Reason::NotEnoughStageWires => String::from_str("not enough stage wires"),
        Reason::TooManyStageWires => String::from_str("too many stage wires"),
        Reason::HeaderTooLong => String::from_str("header does not fit the header size"),
        Reason::StepIndexOutOfRange => String::from_str(
            "attempted to use application Step index that exceeds Application registered steps",
        ),
        Reason::StepOutOfSequence => String::from_str(
            "steps must be registered in sequential order",
        ),
        Reason::StageOutOfOrder => String::from_str("stages must be added in their declared order"),
        Reason::StagesUnfinished => String::from_str(
            "stages must all be added before the driver is taken back",
        ),
    }
}

/// Why a synthesis attempt was abandoned.
#[derive(Clone, Copy, Debug, PartialEq, Eq, Structural)]
pub enum Error {
    /// The circuit asked for more multiplication gates than the limit, which
    /// is carried here.
    MultiplicationBoundExceeded(usize),
    /// The circuit asked for more linear constraints than the limit, which
    /// is carried here.
    LinearBoundExceeded(usize),
    /// A witness does not have the shape that was agreed on: a stage
    /// produced a gadget whose wires do not match the wires that were
    /// reserved for it, or a header is too long.
    InvalidWitness(Reason),
    /// Steps or stages were used out of their declared order.
    Initialization(Reason),
}

} // verus!
