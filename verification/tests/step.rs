use ragu::error::{Error, Reason};
use ragu::step::{InternalStepIndex, StepIndex, NUM_INTERNAL_STEPS};

#[test]
fn test_index_map() {
    let num_application_steps = 10;

    assert_eq!(
        StepIndex::Internal(InternalStepIndex::Rerandomize)
            .circuit_index(num_application_steps)
            .unwrap(),
        10
    );
    assert_eq!(
        StepIndex::new(0).circuit_index(num_application_steps).unwrap(),
        0
    );
    assert_eq!(
        StepIndex::new(1).circuit_index(num_application_steps).unwrap(),
        1
    );
    StepIndex::new(999).assert_index(999).unwrap();
    assert!(StepIndex::new(10)
        .circuit_index(num_application_steps)
        .is_err());
}

#[test]
fn application_step_beyond_the_registered_steps_is_an_initialization_error() {
    assert_eq!(
        StepIndex::new(10).circuit_index(10),
        Err(Error::Initialization(Reason::StepIndexOutOfRange))
    );
    assert_eq!(StepIndex::new(9).circuit_index(10), Ok(9));
}

#[test]
fn steps_out_of_sequence_are_an_initialization_error() {
    assert_eq!(
        StepIndex::new(3).assert_index(4),
        Err(Error::Initialization(Reason::StepOutOfSequence))
    );
    assert_eq!(StepIndex::new(4).assert_index(4), Ok(()));
}

#[test]
fn internal_steps_follow_the_application_steps() {
    assert_eq!(NUM_INTERNAL_STEPS, 1);
    assert_eq!(InternalStepIndex::Rerandomize.index(), 0);
    assert_eq!(
        StepIndex::Internal(InternalStepIndex::Rerandomize).circuit_index(0),
        Ok(0)
    );
}
